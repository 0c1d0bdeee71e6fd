use pic_core::locale::{locale, set_locale, set_locale_by_tag, tr, Locale};
use pic_core::report::{collect_outcomes, Outcome, Report};

#[test]
fn locale_reads_back_what_was_set() {
    let mut current = Locale::Zh;
    set_locale(&mut current, Locale::En);
    assert_eq!(locale(&current), Locale::En);
    set_locale(&mut current, Locale::Zh);
    assert_eq!(locale(&current), Locale::Zh);
}

#[test]
fn locale_tags() {
    let mut current = Locale::En;
    for (tag, want) in [
        ("zh", Locale::Zh),
        ("zh-CN", Locale::Zh),
        ("ZH_tw", Locale::Zh),
        ("zH", Locale::Zh),
        ("en-US", Locale::En),
        ("z", Locale::En),
        ("", Locale::En),
        ("ja", Locale::En),
    ] {
        set_locale_by_tag(&mut current, tag);
        assert_eq!(current, want, "{tag}");
    }
}

#[test]
fn tr_picks_the_language() {
    assert_eq!(tr(Locale::Zh, "成功", "ok"), "成功");
    assert_eq!(tr(Locale::En, "成功", "ok"), "ok");
}

#[test]
fn report_push_and_summary() {
    let mut r = Report::new(false);
    r.push_ok("a".into(), Some("out/a".into()), None);
    r.push_ok("b".into(), None, Some("note".into()));
    r.push_skip("c".into(), "why".into());
    r.push_err("d".into(), "bad".into());
    assert_eq!((r.ok.len(), r.skipped.len(), r.errors.len()), (2, 1, 1));
    assert_eq!(r.skipped[0].detail.as_deref(), Some("why"));
    assert!(r.errors[0].output.is_none());
    assert_eq!(r.summary(Locale::En), "ok: 2, skipped: 1, failed: 1");
    assert_eq!(r.summary(Locale::Zh), "成功 2, 跳过 1, 失败 1");
    let mut big = Report::new(true);
    for i in 0..123 {
        big.push_err(format!("{i}"), "x".into());
    }
    assert_eq!(big.summary(Locale::En), "ok: 0, skipped: 0, failed: 123");
}

#[test]
fn outcomes_land_in_their_lists_in_order() {
    let results = vec![
        ("1".to_string(), Outcome::Fail("e1".into())),
        ("2".to_string(), Outcome::Done { output: "o2".into(), detail: Some("d".into()) }),
        ("3".to_string(), Outcome::Skip("s".into())),
        ("4".to_string(), Outcome::Done { output: "o4".into(), detail: None }),
    ];
    let r = collect_outcomes(&results);
    assert!(!r.dry_run);
    let ok: Vec<&str> = r.ok.iter().map(|e| e.file.as_str()).collect();
    assert_eq!(ok, vec!["2", "4"]);
    assert_eq!(r.ok[0].output.as_deref(), Some("o2"));
    assert_eq!(r.skipped[0].file, "3");
    assert_eq!(r.errors[0].detail.as_deref(), Some("e1"));
}

#[test]
fn report_text_lists_every_file_then_the_summary() {
    let mut r = Report::new(false);
    r.push_ok("a.png".into(), Some("out/a.png".into()), Some("10x10 -> 8x8".into()));
    r.push_ok("b.png".into(), Some("out/b.png".into()), None);
    r.push_skip("c.gif".into(), "animated".into());
    r.push_err("d.png".into(), "Read failed: bad".into());
    assert_eq!(
        r.render_text(Locale::En),
        "✓ a.png -> out/a.png  (10x10 -> 8x8)\n✓ b.png -> out/b.png\n- c.gif  [animated]\n✗ d.png  [Read failed: bad]\n\nok: 2, skipped: 1, failed: 1\n"
    );
    assert_eq!(r.exit_status(), 1);
}

#[test]
fn preview_report_text_is_marked_and_hints() {
    let mut r = Report::new(true);
    r.push_ok("1.png".into(), Some("新名.png".into()), Some("预览".into()));
    assert_eq!(
        r.render_text(Locale::Zh),
        "✓ 1.png -> 新名.png  (预览)\n\n[预览模式] 成功 1, 跳过 0, 失败 0（加 -x 真正执行）\n"
    );
    assert_eq!(
        Report::new(true).render_text(Locale::En),
        "\n[dry-run] ok: 0, skipped: 0, failed: 0 (add -x to apply)\n"
    );
    assert_eq!(r.exit_status(), 0);
}

#[test]
fn starting_language_is_chinese() {
    assert_eq!(Locale::default(), Locale::Zh);
    let mut current = Locale::default();
    set_locale_by_tag(&mut current, "en-US");
    assert_eq!(locale(&current), Locale::En);
}
