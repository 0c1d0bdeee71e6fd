use pic_core::adjust::smooth;
use pic_core::enhance::{
    binarize, bw_source, despeckle, divide_normalize, document_votes, document_votes_at, extremum_filter, integrals,
    morph_close, otsu_fits,
    parse_mode,
    percentile, projection_score, stretch_lut, EnhanceMode, Gray,
};
use pic_core::raster::Raster;

fn gray(w: u32, h: u32, f: impl Fn(u32, u32) -> u8) -> Gray {
    let mut data = Vec::new();
    for y in 0..h {
        for x in 0..w {
            data.push(f(x, y));
        }
    }
    Gray { width: w, height: h, data }
}

#[test]
fn modes() {
    assert_eq!(parse_mode("color"), Ok(EnhanceMode::Color));
    assert_eq!(parse_mode("gray"), Ok(EnhanceMode::Gray));
    assert_eq!(parse_mode("bw"), Ok(EnhanceMode::Bw));
    assert_eq!(parse_mode("BW"), Err("未知模式 BW".to_string()));
}

/// The table agrees with the floating-point form of its formula, for every dark
/// point and every entry.
#[test]
fn stretch_lut_matches_float_formula() {
    for lo in 0..=255u8 {
        let lut = stretch_lut(lo);
        let l = lo.min(120) as f32;
        for i in 0..256usize {
            let v = (i as f32 - l) * 255.0 / (235.0 - l);
            let want = v.round().clamp(0.0, 255.0) as u8;
            assert_eq!(lut[i], want, "lo={lo} i={i}");
        }
    }
    let lut = stretch_lut(20);
    assert_eq!((lut[0], lut[20], lut[235], lut[255]), (0, 0, 255, 255));
    assert!(lut.windows(2).all(|p| p[0] <= p[1]));
}

/// Division normalization agrees with the floating-point form of its formula for
/// every pair of sample and background.
#[test]
fn divide_normalize_matches_float_formula() {
    let mut s = Vec::new();
    let mut b = Vec::new();
    for x in 0..=255u8 {
        for y in 0..=255u8 {
            s.push(x);
            b.push(y);
        }
    }
    let ch = Gray { width: 256, height: 256, data: s.clone() };
    let bg = Gray { width: 256, height: 256, data: b.clone() };
    let out = divide_normalize(&ch, &bg);
    for k in 0..s.len() {
        let v = s[k] as f32 * 255.0 / (b[k] as f32).max(1.0);
        let want = v.round().clamp(0.0, 255.0) as u8;
        assert_eq!(out.data[k], want, "s={} b={}", s[k], b[k]);
    }
}

#[test]
fn percentile_of_ramp() {
    let img = gray(10, 10, |x, y| (y * 10 + x) as u8); // 0..=99
    assert_eq!(percentile(&img, 1), 0);
    assert_eq!(percentile(&img, 50), 49);
    assert_eq!(percentile(&img, 100), 99);
    assert_eq!(percentile(&img, 0), 0);
    let empty = Gray { width: 0, height: 0, data: vec![] };
    assert_eq!(percentile(&empty, 1), 0);
}

#[test]
fn binarize_and_projection() {
    let img = gray(4, 3, |x, y| if y == 1 || x == 0 { 10 } else { 200 });
    let bin = binarize(&img, 128);
    assert_eq!(bin.data, vec![0, 255, 255, 255, 0, 0, 0, 0, 0, 255, 255, 255]);
    // rows hold 1, 4 and 1 black samples
    assert_eq!(projection_score(&bin), 1 + 16 + 1);
}

#[test]
fn despeckle_removes_isolated_dots_only() {
    let mut img = gray(5, 5, |x, y| if (x, y) == (2, 2) || (x, y) == (0, 0) || (x, y) == (3, 1) || (x, y) == (3, 2) { 0 } else { 255 });
    // (3, 1) and (3, 2) touch each other; (0, 0) is on the border
    let before = img.clone();
    despeckle(&mut img);
    assert_eq!(img.data[0], 0);
    assert_eq!(img.data[1 * 5 + 3], 0);
    assert_eq!(img.data[2 * 5 + 3], 0);
    assert_eq!(img.data[2 * 5 + 2], 0, "touches (3, 1) diagonally");
    let mut lone = gray(5, 5, |x, y| if (x, y) == (1, 3) { 0 } else { 255 });
    despeckle(&mut lone);
    assert!(lone.data.iter().all(|&p| p == 255));
    let mut small = gray(2, 2, |_, _| 0);
    despeckle(&mut small);
    assert_eq!(small.data, vec![0; 4]);
    assert_eq!(before.width, img.width);
}

#[test]
fn morphology() {
    let img = gray(7, 5, |x, y| ((x * 37 + y * 91) % 256) as u8);
    let dil = extremum_filter(&img, 1, true);
    let ero = extremum_filter(&img, 1, false);
    for y in 0..5i64 {
        for x in 0..7i64 {
            let mut mx = 0u8;
            let mut mn = 255u8;
            for dy in -1..=1 {
                for dx in -1..=1 {
                    let (xx, yy) = (x + dx, y + dy);
                    if (0..7).contains(&xx) && (0..5).contains(&yy) {
                        let v = img.data[(yy * 7 + xx) as usize];
                        mx = mx.max(v);
                        mn = mn.min(v);
                    }
                }
            }
            assert_eq!(dil.data[(y * 7 + x) as usize], mx);
            assert_eq!(ero.data[(y * 7 + x) as usize], mn);
        }
    }
    // closing never darkens, and removes a thin dark line
    let line = gray(9, 9, |_, y| if y == 4 { 20 } else { 200 });
    let closed = morph_close(&line, 2);
    assert!(closed.data.iter().all(|&p| p == 200));
    let closed = morph_close(&img, 2);
    assert!(closed.data.iter().zip(&img.data).all(|(c, i)| c >= i));
}

#[test]
fn document_votes_on_plain_inputs() {
    // white page with 10% dark text, gray pixels
    let g = gray(20, 20, |x, y| if y % 10 == 0 && x > 2 { 20 } else { 240 });
    let rgb = Raster { width: 20, height: 20, bpp: 3, format: 0, data: g.data.iter().flat_map(|&v| [v, v, v]).collect() };
    assert!(document_votes(&g, &rgb));
    // saturated noise
    let g = gray(16, 16, |x, y| ((x * 16 + y) * 7 % 256) as u8);
    let rgb = Raster {
        width: 16,
        height: 16,
        bpp: 3,
        format: 0,
        data: (0..256u32).flat_map(|k| [(k * 7 % 256) as u8, (k * 13 % 256) as u8, (k * 29 % 256) as u8]).collect(),
    };
    assert!(!document_votes(&g, &rgb));
}

#[test]
fn summed_area_tables() {
    let img = gray(3, 2, |x, y| (10 * y + x + 1) as u8);
    let (sum, sq) = integrals(&img);
    assert_eq!(sum, vec![0, 0, 0, 0, 0, 1, 3, 6, 0, 12, 26, 42]);
    assert_eq!(sq, vec![0, 0, 0, 0, 0, 1, 5, 14, 0, 122, 270, 448]);
    let img = gray(17, 9, |x, y| ((x * 31 + y * 7) % 256) as u8);
    let (sum, sq) = integrals(&img);
    let stride = 18;
    for y in 0..=9usize {
        for x in 0..=17usize {
            let mut a = 0u64;
            let mut b = 0u64;
            for yy in 0..y {
                for xx in 0..x {
                    let v = img.data[yy * 17 + xx] as u64;
                    a += v;
                    b += v * v;
                }
            }
            assert_eq!((sum[y * stride + x], sq[y * stride + x]), (a, b), "x={x} y={y}");
        }
    }
    let (sum, sq) = integrals(&gray(0, 0, |_, _| 0));
    assert_eq!((sum, sq), (vec![0], vec![0]));
}

/// Smoothing agrees with the floating-point form of its kernel.
#[test]
fn smoothing_matches_float_kernel() {
    let (w, h) = (7u32, 5u32);
    let mut data = Vec::new();
    for i in 0..(w * h * 4) {
        data.push(((i * 73 + 11) % 256) as u8);
    }
    let img = Raster { width: w, height: h, bpp: 4, format: 3, data: data.clone() };
    let out = smooth(&img);
    for y in 0..h as usize {
        for x in 0..w as usize {
            for c in 0..4usize {
                let k = (y * w as usize + x) * 4 + c;
                let want = if x >= 1 && x + 1 < w as usize && y >= 1 && y + 1 < h as usize && c < 3 {
                    let mut acc = 0.0f32;
                    for dy in -1i32..=1 {
                        for dx in -1i32..=1 {
                            let wgt = if dx == 0 && dy == 0 { 5.0 } else { 1.0 };
                            let q = ((y as i32 + dy) as usize * w as usize + (x as i32 + dx) as usize) * 4 + c;
                            acc += wgt * data[q] as f32;
                        }
                    }
                    (acc / 13.0).round().clamp(0.0, 255.0) as u8
                } else {
                    data[k]
                };
                assert_eq!(out.data[k], want, "x={x} y={y} c={c}");
            }
        }
    }
    let tiny = Raster { width: 2, height: 9, bpp: 4, format: 3, data: vec![9; 72] };
    assert_eq!(smooth(&tiny).data, tiny.data);
}

#[test]
fn black_and_white_source_is_median_filtered_when_denoising() {
    let img = gray(5, 5, |x, y| if (x, y) == (2, 2) { 0 } else { 100 });
    let out = bw_source(&img, true);
    assert_eq!((out.width, out.height), (5, 5));
    assert!(out.data.iter().all(|&v| v == 100));
    assert_eq!(bw_source(&img, false).data, img.data);
}

#[test]
fn ink_vote_follows_the_threshold() {
    let g = gray(20, 20, |x, y| if y % 10 == 0 && x > 2 { 20 } else { 240 });
    let rgb = Raster { width: 20, height: 20, bpp: 3, format: 0, data: [255u8, 0, 0].repeat(400) };
    assert!(document_votes_at(&g, &rgb, 100));
    assert!(!document_votes_at(&g, &rgb, 0));
    assert!(!document_votes_at(&g, &rgb, 255));
}

#[test]
fn otsu_arithmetic_bounds() {
    assert!(otsu_fits(&gray(20, 20, |x, _| x as u8)));
    let big = Gray { width: 4200, height: 4100, data: vec![255; 4200 * 4100] };
    assert!(!otsu_fits(&big));
    let big_dark = Gray { width: 4200, height: 4100, data: vec![1; 4200 * 4100] };
    assert!(otsu_fits(&big_dark));
}

#[test]
fn median_denoising_pads_by_continuity() {
    let img = Gray { width: 3, height: 3, data: vec![1, 2, 3, 200, 6, 7, 9, 100, 11] };
    assert_eq!(bw_source(&img, true).data, vec![2, 3, 3, 9, 7, 7, 9, 11, 11]);
}
