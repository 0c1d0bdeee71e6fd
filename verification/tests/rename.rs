use pic_core::locale::Locale;
use pic_core::rename::{
    decode_text, ext_of, invert, mapping_text, parse_mapping, plan_renames, record_finished,
    record_staged, target_name_of, temp_name, two_phase_steps, undo_log_name, validate_new_name, AppliedRename,
    UndoLog,
};
use pic_core::report::Report;

const ZH: Locale = Locale::Zh;

#[test]
fn parse_separators_and_bom() {
    let text = "\u{feff}1.png,张三.png\na.png，李四.png\nb.png\t王五.png\n# 注释\n\nbad-line\n";
    let (pairs, errors) = parse_mapping(ZH, text);
    assert_eq!(pairs.len(), 3);
    assert_eq!(pairs[0], ("1.png".into(), "张三.png".into()));
    assert_eq!(pairs[1], ("a.png".into(), "李四.png".into()));
    assert_eq!(pairs[2], ("b.png".into(), "王五.png".into()));
    assert_eq!(errors.len(), 1);
}

#[test]
fn utf16_le_decoding() {
    let text = "1.png,张三.png";
    let mut bytes = vec![0xFF, 0xFE];
    for u in text.encode_utf16() {
        bytes.extend_from_slice(&u.to_le_bytes());
    }
    let decoded = decode_text(&bytes).unwrap();
    assert_eq!(decoded, text);
}

#[test]
fn reserved_and_forbidden_names() {
    assert!(validate_new_name(ZH, "CON.png").is_err());
    assert!(validate_new_name(ZH, "a:b.png").is_err());
    assert!(validate_new_name(ZH, "bad.").is_err());
    assert!(validate_new_name(ZH, "正常名.png").is_ok());
}

// ------------------------------------------------------------------ a folder in memory

/// A folder of files held in memory, renamed the way `std::fs::rename`
/// renames on Unix (the target is replaced).
struct Folder {
    files: Vec<(String, Vec<u8>)>,
}

impl Folder {
    fn new(names: &[&str]) -> Folder {
        Folder { files: names.iter().map(|n| (n.to_string(), b"x".to_vec())).collect() }
    }
    fn with(files: &[(&str, &[u8])]) -> Folder {
        Folder { files: files.iter().map(|(n, c)| (n.to_string(), c.to_vec())).collect() }
    }
    fn find(&self, name: &str) -> Option<usize> {
        self.files.iter().position(|(n, _)| n == name)
    }
    fn is_file(&self, name: &str) -> bool {
        self.find(name).is_some()
    }
    fn read(&self, name: &str) -> Vec<u8> {
        self.files[self.find(name).unwrap()].1.clone()
    }
    fn rename(&mut self, from: &str, to: &str) -> Result<(), String> {
        let i = self.find(from).ok_or_else(|| "No such file or directory".to_string())?;
        let content = self.files.remove(i).1;
        if let Some(j) = self.find(to) {
            self.files.remove(j);
        }
        self.files.push((to.to_string(), content));
        Ok(())
    }
}

/// The whole batch as the command-line tool runs it: plan, then move every
/// file to a temporary name, then every staged file to its target.
fn batch(folder: &mut Folder, mapping: &[(String, String)], execute: bool) -> (Report, Vec<AppliedRename>) {
    let existing: Vec<String> = folder.files.iter().map(|(n, _)| n.clone()).collect();
    let mapping: Vec<(String, String)> = mapping.to_vec();
    let present: Vec<bool> = mapping.iter().map(|(o, _)| folder.is_file(o)).collect();
    let (mut report, moves) = plan_renames(ZH, &existing, &mapping, &present, execute);
    if !execute {
        return (report, Vec::new());
    }
    let stamp: u128 = 0xabc;
    let steps = two_phase_steps(stamp, &moves);
    let n = moves.len();
    let mut staged = Vec::new();
    for i in 0..n {
        let r = folder.rename(&steps[i].0, &steps[i].1);
        record_staged(ZH, &mut report, &mut staged, &moves, i, r);
    }
    let mut applied = Vec::new();
    for &i in &staged {
        let (tmp, to) = &steps[n + i];
        let r = folder.rename(tmp, to);
        if record_finished(ZH, &mut report, &mut applied, &moves, i, r) {
            let _ = folder.rename(tmp, &steps[i].0);
        }
    }
    (report, applied)
}

#[test]
fn rename_with_auto_extension() {
    let mut dir = Folder::new(&["1.png", "a.png"]);
    let mapping = vec![("1.png".into(), "张三".into()), ("a.png".into(), "李四.png".into())];
    let (report, applied) = batch(&mut dir, &mapping, true);
    assert_eq!(report.ok.len(), 2, "{report:?}");
    assert!(dir.is_file("张三.png"));
    assert!(dir.is_file("李四.png"));
    assert_eq!(applied.len(), 2);
}

#[test]
fn swap_two_files() {
    let mut dir = Folder::with(&[("a.png", b"AAA"), ("b.png", b"BBB")]);
    let mapping = vec![("a.png".into(), "b.png".into()), ("b.png".into(), "a.png".into())];
    let (report, _) = batch(&mut dir, &mapping, true);
    assert_eq!(report.ok.len(), 2, "{report:?}");
    assert_eq!(dir.read("b.png"), b"AAA");
    assert_eq!(dir.read("a.png"), b"BBB");
}

#[test]
fn dry_run_touches_nothing() {
    let mut dir = Folder::new(&["1.png"]);
    let mapping = vec![("1.png".into(), "新名.png".into())];
    let (report, applied) = batch(&mut dir, &mapping, false);
    assert!(report.dry_run);
    assert_eq!(report.ok.len(), 1);
    assert!(applied.is_empty());
    assert!(dir.is_file("1.png"));
    assert!(!dir.is_file("新名.png"));
}

#[test]
fn conflicts_detected() {
    let mut dir = Folder::new(&["1.png", "2.png", "occupied.png"]);
    let mapping = vec![
        ("1.png".into(), "same.png".into()),
        ("2.png".into(), "same.png".into()),
        ("missing.png".into(), "x.png".into()),
        ("2.png".into(), "occupied.png".into()),
    ];
    let (report, _) = batch(&mut dir, &mapping, false);
    // duplicate target, missing source, target taken: 3 errors; 1.png -> same.png is fine
    assert_eq!(report.ok.len(), 1, "{report:?}");
    assert_eq!(report.errors.len(), 3, "{report:?}");
}

#[test]
fn undo_roundtrip() {
    let mut dir = Folder::new(&["1.png"]);
    let mapping = vec![("1.png".into(), "改后.png".into())];
    let (_, applied) = batch(&mut dir, &mapping, true);
    let log = UndoLog { folder: "/tmp/x".into(), renames: applied };
    let (report, _) = batch(&mut dir, &invert(&log), true);
    assert_eq!(report.ok.len(), 1);
    assert!(dir.is_file("1.png"));
}

#[test]
fn chain_rename() {
    let mut dir = Folder::with(&[("a.png", b"A"), ("b.png", b"B")]);
    let mapping = vec![("a.png".into(), "b.png".into()), ("b.png".into(), "c.png".into())];
    let (report, _) = batch(&mut dir, &mapping, true);
    assert_eq!(report.ok.len(), 2, "{report:?}");
    assert_eq!(dir.read("b.png"), b"A");
    assert_eq!(dir.read("c.png"), b"B");
}

// ------------------------------------------------------------------ more cases

#[test]
fn parse_reports_line_numbers_in_both_languages() {
    let (pairs, errors) = parse_mapping(Locale::Zh, "a.png,b.png\nno separator\n , x\n");
    assert_eq!(pairs, vec![("a.png".to_string(), "b.png".to_string())]);
    assert_eq!(errors, vec!["第 2: 行缺少分隔符（逗号或 Tab）".to_string(), "第 3: 行缺少旧文件名或新文件名".to_string()]);
    let (_, errors) = parse_mapping(Locale::En, "x\n\n\ny");
    assert_eq!(
        errors,
        vec!["Line 1: missing separator (comma or tab)".to_string(), "Line 4: missing separator (comma or tab)".to_string()]
    );
}

#[test]
fn parse_prefers_tab_then_full_width_comma() {
    let (pairs, _) = parse_mapping(ZH, "a,b\tc\nd,e，f\n  g , h  \r\n");
    assert_eq!(
        pairs,
        vec![
            ("a,b".to_string(), "c".to_string()),
            ("d,e".to_string(), "f".to_string()),
            ("g".to_string(), "h".to_string())
        ]
    );
}

#[test]
fn mapping_text_reads_back() {
    let pairs = vec![("1.png".to_string(), "张三.png".to_string()), ("a b.jpg".to_string(), "x,y.jpg".to_string())];
    let notes = vec!["第 3: 行缺少分隔符（逗号或 Tab）".to_string()];
    let text = mapping_text(&pairs, &notes);
    assert_eq!(text, "1.png,张三.png\na b.jpg,x,y.jpg\n# 解析失败: 第 3: 行缺少分隔符（逗号或 Tab）\n");
    let (back, errors) = parse_mapping(ZH, &text);
    assert_eq!(back, pairs);
    assert!(errors.is_empty());
}

#[test]
fn decode_utf8_with_and_without_bom_and_utf16_be() {
    assert_eq!(decode_text(b"\xEF\xBB\xBFa,b").unwrap(), "a,b");
    assert_eq!(decode_text("张三".as_bytes()).unwrap(), "张三");
    assert!(decode_text(&[0xC3, 0x28]).is_none());
    let mut be = vec![0xFE, 0xFF];
    for u in "😀x".encode_utf16() {
        be.extend_from_slice(&u.to_be_bytes());
    }
    assert_eq!(decode_text(&be).unwrap(), "😀x");
    // an unpaired surrogate is refused; an odd trailing byte is dropped
    assert!(decode_text(&[0xFF, 0xFE, 0x00, 0xD8, 0x41, 0x00]).is_none());
    assert_eq!(decode_text(&[0xFF, 0xFE, 0x41, 0x00, 0x42]).unwrap(), "A");
}

#[test]
fn name_check_messages() {
    assert_eq!(validate_new_name(Locale::En, "a:b.png").unwrap_err(), "New name contains invalid character ':'");
    assert_eq!(validate_new_name(Locale::En, "a\\b").unwrap_err(), "New name contains invalid character '\\\\'");
    assert_eq!(validate_new_name(Locale::En, "a\u{1}b").unwrap_err(), "New name contains invalid character '\\u{1}'");
    assert_eq!(validate_new_name(Locale::En, "a\tb").unwrap_err(), "New name contains invalid character '\\t'");
    assert_eq!(validate_new_name(Locale::En, "x ").unwrap_err(), "New name cannot end with a dot or space");
    assert_eq!(validate_new_name(Locale::En, &"a".repeat(256)).unwrap_err(), "New name exceeds 255 characters");
    assert!(validate_new_name(Locale::En, &"a".repeat(255)).is_ok());
    assert_eq!(validate_new_name(Locale::En, "lpt3.txt").unwrap_err(), "LPT3 is a reserved Windows device name");
    assert_eq!(validate_new_name(Locale::Zh, "Com1").unwrap_err(), "COM1 是 Windows 保留设备名");
    assert!(validate_new_name(Locale::En, "COM0.png").is_ok());
    assert!(validate_new_name(Locale::En, "CONSOLE.png").is_ok());
}

#[test]
fn extensions() {
    assert_eq!(ext_of("a.png"), Some("png"));
    assert_eq!(ext_of("a.tar.gz"), Some("gz"));
    assert_eq!(ext_of(".png"), None);
    assert_eq!(ext_of("..png"), Some("png"));
    assert_eq!(ext_of("a."), None);
    assert_eq!(ext_of("张三"), None);
    assert_eq!(ext_of(""), None);
    assert_eq!(target_name_of("1.png", "张三"), "张三.png");
    assert_eq!(target_name_of("1.png", "张三.jpg"), "张三.jpg");
    assert_eq!(target_name_of("README", "x"), "x");
}

#[test]
fn plan_reasons_and_order() {
    let existing = vec!["1.png".to_string(), "2.png".to_string(), "Occupied.PNG".to_string(), "b.png".to_string()];
    let mapping: Vec<(String, String)> = vec![
        ("dir/1.png".into(), "x.png".into()),
        ("1.png".into(), "1.png".into()),
        ("1.png".into(), "bad?.png".into()),
        ("2.png".into(), "occupied.png".into()),
        ("b.png".into(), "B".into()),
        ("1.png".into(), "new.png".into()),
        ("2.png".into(), "NEW".into()),
    ];
    let present = vec![false, true, true, true, true, true, true];
    let (report, moves) = plan_renames(Locale::En, &existing, &mapping, &present, false);
    let errors: Vec<(String, String)> =
        report.errors.iter().map(|e| (e.file.clone(), e.detail.clone().unwrap())).collect();
    assert_eq!(
        errors,
        vec![
            ("dir/1.png".to_string(), "Old name cannot contain path separators".to_string()),
            ("1.png".to_string(), "New name contains invalid character '?'".to_string()),
            ("2.png".to_string(), "Target file already exists: occupied.png".to_string()),
            ("2.png".to_string(), "NEW.png duplicates the target of 1.png".to_string()),
        ]
    );
    assert_eq!(report.skipped.len(), 1);
    assert_eq!(report.skipped[0].detail.as_deref(), Some("New name is same as old"));
    let planned: Vec<(String, String)> = moves.iter().map(|m| (m.from.clone(), m.to.clone())).collect();
    // a case-only rename of the file itself is allowed
    assert_eq!(planned, vec![("b.png".to_string(), "B.png".to_string()), ("1.png".to_string(), "new.png".to_string())]);
    assert_eq!(report.ok.len(), 2);
    assert_eq!(report.ok[0].detail.as_deref(), Some("preview"));
    assert_eq!(report.ok[1].output.as_deref(), Some("new.png"));
}

#[test]
fn execution_failures_are_reported_and_rolled_back() {
    let moves = vec![
        AppliedRename { from: "a".into(), to: "b".into() },
        AppliedRename { from: "c".into(), to: "d".into() },
    ];
    let mut report = Report::new(false);
    let mut staged = Vec::new();
    record_staged(Locale::En, &mut report, &mut staged, &moves, 0, Err("denied".into()));
    record_staged(Locale::En, &mut report, &mut staged, &moves, 1, Ok(()));
    assert_eq!(staged, vec![1]);
    assert_eq!(report.errors[0].detail.as_deref(), Some("Rename failed: denied"));
    let mut applied = Vec::new();
    assert!(record_finished(Locale::En, &mut report, &mut applied, &moves, 1, Err("busy".into())));
    assert!(applied.is_empty());
    assert_eq!(report.errors[1].detail.as_deref(), Some("Rename failed (rolled back): busy"));
    assert!(!record_finished(Locale::En, &mut report, &mut applied, &moves, 1, Ok(())));
    assert_eq!(applied.len(), 1);
    assert_eq!(report.ok[0].output.as_deref(), Some("d"));
    assert_eq!(temp_name(0x1f, 7), ".pic-rename-1f-7");
}

#[test]
fn invert_swaps_each_rename() {
    let log = UndoLog {
        folder: "f".into(),
        renames: vec![AppliedRename { from: "a".into(), to: "b".into() }, AppliedRename { from: "c".into(), to: "d".into() }],
    };
    assert_eq!(invert(&log), vec![("b".to_string(), "a".to_string()), ("d".to_string(), "c".to_string())]);
}

#[test]
fn undo_log_file_name() {
    assert_eq!(undo_log_name(1_700_000_000), "pic-rename-undo-1700000000.json");
    assert_eq!(undo_log_name(0), "pic-rename-undo-0.json");
}

#[test]
fn target_that_stays_is_never_overwritten() {
    let mut dir = Folder::with(&[("a.png", b"AAA"), ("b.png", b"BBB")]);
    let mapping = vec![("a.png".into(), "b.png".into()), ("b.png".into(), "b.png".into())];
    let (report, applied) = batch(&mut dir, &mapping, true);
    assert!(report.ok.is_empty(), "{report:?}");
    assert_eq!(report.skipped.len(), 1);
    assert_eq!(report.errors.len(), 1);
    assert_eq!(report.errors[0].file, "a.png");
    assert_eq!(report.errors[0].detail.as_deref(), Some("目标文件已存在: b.png"));
    assert!(applied.is_empty());
    assert_eq!(dir.read("a.png"), b"AAA");
    assert_eq!(dir.read("b.png"), b"BBB");
}

#[test]
fn withdrawn_rename_keeps_its_source_occupied() {
    let mut dir = Folder::with(&[("a.png", b"A"), ("b.png", b"B"), ("c.png", b"C")]);
    let mapping = vec![
        ("a.png".into(), "b.png".into()),
        ("b.png".into(), "c.png".into()),
        ("c.png".into(), "c.png".into()),
    ];
    let (report, _) = batch(&mut dir, &mapping, true);
    assert!(report.ok.is_empty(), "{report:?}");
    let failed: Vec<&str> = report.errors.iter().map(|e| e.file.as_str()).collect();
    assert_eq!(failed, vec!["b.png", "a.png"]);
    assert_eq!((dir.read("a.png"), dir.read("b.png"), dir.read("c.png")), (b"A".to_vec(), b"B".to_vec(), b"C".to_vec()));
}

#[test]
fn two_phase_steps_stage_then_finish() {
    let moves = vec![
        AppliedRename { from: "a.png".into(), to: "b.png".into() },
        AppliedRename { from: "b.png".into(), to: "a.png".into() },
    ];
    let steps = two_phase_steps(0xabc, &moves);
    let want: Vec<(String, String)> = vec![
        ("a.png".into(), ".pic-rename-abc-0".into()),
        ("b.png".into(), ".pic-rename-abc-1".into()),
        (".pic-rename-abc-0".into(), "b.png".into()),
        (".pic-rename-abc-1".into(), "a.png".into()),
    ];
    assert_eq!(steps, want);
}

#[test]
fn decoding_gives_back_every_encoding() {
    for s in ["", "1.png,张三.png\n", "a,b😀\r\nc，d", "\u{feff}x"] {
        let mut bom = vec![0xEF, 0xBB, 0xBF];
        bom.extend_from_slice(s.as_bytes());
        assert_eq!(decode_text(&bom).as_deref(), Some(s));
        if !s.starts_with('\u{feff}') {
            assert_eq!(decode_text(s.as_bytes()).as_deref(), Some(s));
        }
        let mut le = vec![0xFF, 0xFE];
        let mut be = vec![0xFE, 0xFF];
        for u in s.encode_utf16() {
            le.extend_from_slice(&u.to_le_bytes());
            be.extend_from_slice(&u.to_be_bytes());
        }
        assert_eq!(decode_text(&le).as_deref(), Some(s));
        assert_eq!(decode_text(&be).as_deref(), Some(s));
    }
    assert_eq!(decode_text(&[0xC0, 0x80]), None);
}

#[test]
fn parsing_follows_whole_lines() {
    let a = "1.png,x.png\nbad\n";
    let b = "# c\n2.png\ty.png\nalso bad";
    let (pa, ea) = parse_mapping(ZH, a);
    let (pb, eb) = parse_mapping(ZH, b);
    let (pab, eab) = parse_mapping(ZH, &format!("{a}{b}"));
    assert_eq!(pab, [pa, pb].concat());
    assert_eq!(eab.len(), ea.len() + eb.len());
    assert_eq!(eab.len(), 2);
}

#[test]
fn repeated_old_name_loses_nothing() {
    let mut dir = Folder::with(&[("a.png", b"A"), ("b.png", b"B")]);
    let mapping = vec![("a.png".into(), "x.png".into()), ("a.png".into(), "y.png".into())];
    let (report, applied) = batch(&mut dir, &mapping, true);
    assert_eq!(report.ok.len(), 1, "{report:?}");
    assert_eq!(report.errors.len(), 1);
    assert_eq!(applied.len(), 1);
    assert_eq!(dir.read("x.png"), b"A");
    assert_eq!(dir.read("b.png"), b"B");
    assert!(!dir.is_file("y.png"));
}

#[test]
fn preview_and_execution_report_the_same_rows() {
    let names = ["1.png", "2.png", "occupied.png", "a.png", "b.png"];
    let mapping: Vec<(String, String)> = vec![
        ("1.png".into(), "same.png".into()),
        ("2.png".into(), "same.png".into()),
        ("a.png".into(), "b.png".into()),
        ("b.png".into(), "a".into()),
        ("missing.png".into(), "x.png".into()),
        ("1.png".into(), "1.png".into()),
        ("occupied.png".into(), "occupied.png".into()),
    ];
    let (preview, _) = batch(&mut Folder::new(&names), &mapping, false);
    let (done, _) = batch(&mut Folder::new(&names), &mapping, true);
    assert!(preview.dry_run && !done.dry_run);
    let rows = |r: &Report| r.ok.iter().map(|e| (e.file.clone(), e.output.clone())).collect::<Vec<_>>();
    assert_eq!(rows(&preview), rows(&done));
    let notes = |v: &Vec<pic_core::report::Entry>| v.iter().map(|e| (e.file.clone(), e.detail.clone())).collect::<Vec<_>>();
    assert_eq!(notes(&preview.errors), notes(&done.errors));
    assert_eq!(notes(&preview.skipped), notes(&done.skipped));
}
