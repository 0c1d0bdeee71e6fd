use pic_core::requests::{check_selection, mapping_source, parse_preview_kind, MappingSource, PreviewKind};

#[test]
fn empty_selection_is_refused() {
    assert_eq!(check_selection(&vec![]), Err("没有选中任何图片".to_string()));
    assert_eq!(check_selection(&vec!["a.png".to_string()]), Ok(()));
}

#[test]
fn preview_kinds() {
    assert_eq!(parse_preview_kind("adjust"), Ok(PreviewKind::Adjust));
    assert_eq!(parse_preview_kind("enhance"), Ok(PreviewKind::Enhance));
    assert_eq!(parse_preview_kind("crop"), Ok(PreviewKind::Crop));
    assert_eq!(parse_preview_kind("rotate"), Err("未知预览类型 rotate".to_string()));
}

#[test]
fn mapping_source_prefers_the_file() {
    match mapping_source(Some("m.txt".into()), Some("a,b".into())) {
        Ok(MappingSource::File(f)) => assert_eq!(f, "m.txt"),
        other => panic!("{other:?}"),
    }
    match mapping_source(None, Some("a,b".into())) {
        Ok(MappingSource::Text(t)) => assert_eq!(t, "a,b"),
        other => panic!("{other:?}"),
    }
    match mapping_source(None, None) {
        Err(e) => assert_eq!(e, "map_file or mapping_text is required"),
        other => panic!("{other:?}"),
    }
}
