use pic_core::output::{is_image_extension, temp_sibling_name};

#[test]
fn image_extensions_are_recognised_without_regard_to_case() {
    for e in ["png", "jpg", "jpeg", "bmp", "webp", "gif", "tif", "tiff"] {
        assert!(is_image_extension(e), "{e}");
        assert!(is_image_extension(&e.to_ascii_uppercase()), "{e}");
    }
    assert!(is_image_extension("JpEg"));
}

#[test]
fn other_extensions_are_not_images() {
    for e in ["", "txt", "pngx", "pn", "jp", "svg", "json", "tiff2", " png", "ｐｎｇ"] {
        assert!(!is_image_extension(e), "{e:?}");
    }
}

#[test]
fn temp_sibling_names_carry_tag_stamp_and_name() {
    assert_eq!(temp_sibling_name("tmp", 255, "a.png"), ".pic-tmp-ff-a.png");
    assert_eq!(temp_sibling_name("tmp", 0, "照片.jpg"), ".pic-tmp-0-照片.jpg");
    assert_eq!(
        temp_sibling_name("tmp", 999_999_999, "x"),
        format!(".pic-tmp-{:x}-x", 999_999_999u32)
    );
}
