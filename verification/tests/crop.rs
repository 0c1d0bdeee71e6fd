use pic_core::crop::{crop_image, size_change, CropSpec};
use pic_core::locale::Locale;
use pic_core::raster::Raster;

fn filled(w: u32, h: u32, px: [u8; 3]) -> Raster {
    let mut data = Vec::new();
    for _ in 0..(w * h) {
        data.extend_from_slice(&px);
    }
    Raster { width: w, height: h, bpp: 3, format: 0, data }
}

#[test]
fn crop_edges() {
    let img = filled(200, 100, [10, 20, 30]);
    let spec = CropSpec { left: 100, bottom: 57, ..Default::default() };
    let out = crop_image(Locale::Zh, &img, &spec).unwrap();
    assert_eq!((out.width, out.height), (100, 43));
}

#[test]
fn crop_too_much() {
    let img = filled(50, 50, [0, 0, 0]);
    let spec = CropSpec { left: 30, right: 30, ..Default::default() };
    assert!(crop_image(Locale::Zh, &img, &spec).is_err());
}

#[test]
fn crop_all_zero_rejected() {
    assert!(CropSpec::default().validate(Locale::Zh).is_err());
}

#[test]
fn crop_keeps_the_inner_pixels() {
    // 4x3 gray image with distinct samples
    let img = Raster { width: 4, height: 3, bpp: 1, format: 7, data: (0u8..12).collect() };
    let spec = CropSpec { left: 1, top: 1, right: 1, bottom: 0 };
    let out = crop_image(Locale::En, &img, &spec).unwrap();
    assert_eq!((out.width, out.height, out.bpp, out.format), (2, 2, 1, 7));
    assert_eq!(out.data, vec![5, 6, 9, 10]);
}

#[test]
fn crop_error_message_and_boundaries() {
    let img = filled(50, 40, [1, 2, 3]);
    let e = crop_image(Locale::En, &img, &CropSpec { top: 20, bottom: 20, ..Default::default() }).unwrap_err();
    assert_eq!(e, "Crop amount exceeds image size 50x40");
    let e = crop_image(Locale::Zh, &img, &CropSpec { left: 50, ..Default::default() }).unwrap_err();
    assert_eq!(e, "裁剪量超过图片尺寸 50x40");
    let out = crop_image(Locale::En, &img, &CropSpec { left: 49, top: 39, ..Default::default() }).unwrap();
    assert_eq!((out.width, out.height), (1, 1));
    assert_eq!(out.data, vec![1, 2, 3]);
    assert_eq!(
        CropSpec::default().validate(Locale::En).unwrap_err(),
        "Specify at least one edge to crop"
    );
    assert!(CropSpec { right: 1, ..Default::default() }.validate(Locale::En).is_ok());
}

#[test]
fn size_change_note() {
    let img = filled(200, 100, [1, 2, 3]);
    let spec = CropSpec { left: 100, bottom: 57, ..Default::default() };
    let out = crop_image(Locale::En, &img, &spec).unwrap();
    assert_eq!(size_change(&img, &out), "200x100 -> 100x43");
}
