use tomb::date::Date;
use tomb::id::{assign_missing_ids, collect_ids, repair_duplicates};
use tomb::model::{FileMode, Frontmatter, ManagedFile, Section, SectionKind};
use tomb::parser::{parse_date_heading, parse_managed_file};
use tomb::renderer::render_managed_file;

fn date(y: i32, m: u32, d: u32) -> Date {
    Date::from_ymd(y, m, d).unwrap()
}

#[test]
fn date_text_reads_back_as_the_date() {
    for (y, m, d, text) in [
        (2026, 2, 25, "2026-02-25"),
        (7, 1, 9, "0007-01-09"),
        (-1, 12, 31, "-0001-12-31"),
        (12345, 6, 7, "+12345-06-07"),
        (2024, 2, 29, "2024-02-29"),
    ] {
        let day = date(y, m, d);
        assert_eq!(day.to_ymd_string(), text);
        assert_eq!(parse_date_heading(text), Some(day));
    }
}

#[test]
fn invalid_dates_do_not_exist() {
    assert!(Date::from_ymd(2023, 2, 29).is_none());
    assert!(Date::from_ymd(2026, 13, 1).is_none());
    assert!(Date::from_ymd(2026, 4, 31).is_none());
    assert!(Date::from_ymd(2026, 1, 0).is_none());
}

#[test]
fn frontmatter_reads_back_as_written() {
    let frontmatter = Frontmatter {
        mode: Some(FileMode::Tracking),
        version: Some(255),
        context: Some(String::from("deep work")),
        last_rollover: Some(date(-1, 3, 4)),
        extras: vec![
            (String::from("author"), String::from("a: b")),
            (String::from("zeta"), String::new()),
        ],
    };
    let file = ManagedFile { frontmatter: frontmatter.clone(), sections: vec![], source: String::new() };
    let text = render_managed_file(&file);
    let reread = parse_managed_file(&text).unwrap();
    assert_eq!(reread.frontmatter, frontmatter);
}

#[test]
fn later_frontmatter_key_wins_and_keys_come_out_sorted() {
    let file = parse_managed_file("---\nb: 1\na: 2\nb: 3\n---\n").unwrap();
    assert_eq!(
        file.frontmatter.extras,
        vec![(String::from("a"), String::from("2")), (String::from("b"), String::from("3"))]
    );
}

#[test]
fn headings_read_back_as_their_kind() {
    let file = ManagedFile {
        frontmatter: Frontmatter::default(),
        sections: vec![
            Section { kind: SectionKind::Date(date(2026, 3, 1)), tasks: vec![] },
            Section { kind: SectionKind::Backlog, tasks: vec![] },
            Section { kind: SectionKind::Date(date(2026, 3, 2)), tasks: vec![] },
            Section { kind: SectionKind::Today, tasks: vec![] },
        ],
        source: String::new(),
    };
    let text = render_managed_file(&file);
    assert_eq!(text, "## Today\n\n## Backlog\n\n## 2026-03-02\n\n## 2026-03-01\n");
    let reread = parse_managed_file(&text).unwrap();
    let kinds: Vec<SectionKind> = reread.sections.iter().map(|s| s.kind).collect();
    assert_eq!(
        kinds,
        vec![
            SectionKind::Today,
            SectionKind::Backlog,
            SectionKind::Date(date(2026, 3, 2)),
            SectionKind::Date(date(2026, 3, 1)),
        ]
    );
}

#[test]
fn assigned_ids_read_back_after_rendering() {
    let mut file = parse_managed_file("## Today\n\n- [ ] One\n  - [ ] Two\n- [ ] Three ^x1\n").unwrap();
    assert_eq!(assign_missing_ids(&mut file), 2);
    let ids = collect_ids(&file);
    let reread = parse_managed_file(&render_managed_file(&file)).unwrap();
    assert_eq!(collect_ids(&reread), ids);
}

#[test]
fn repaired_ids_read_back_after_rendering() {
    let mut file = parse_managed_file("## Today\n\n- [ ] One ^d\n- [ ] Two ^d\n").unwrap();
    assert_eq!(repair_duplicates(&mut file), 1);
    let ids = collect_ids(&file);
    assert_eq!(ids[0], "d");
    assert_ne!(ids[1], "d");
    let reread = parse_managed_file(&render_managed_file(&file)).unwrap();
    assert_eq!(collect_ids(&reread), ids);
}
