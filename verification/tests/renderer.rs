use tomb::date::Date;
use tomb::model::{FileMode, Frontmatter, ManagedFile, Section, SectionKind, Task, TaskLink, TaskStatus};
use tomb::parser::parse_managed_file;
use tomb::renderer::render_managed_file;

const ROUND_TRIP_STUB: &str = "---
tomb_mode: managed
tomb_version: 1
context: work
last_rollover: 2026-02-25
---

## Today

- [/] Design the API [org/basalt#42](https://github.com/org/basalt/issues/42) ^t3k9
  We need to finalize the REST API before the frontend team starts.
  Targeting OpenAPI 3.1 spec.

  ```yaml
  openapi: 3.1.0
  info:
    version: 1.0.0
    title: Example API
  ```

  - [x] Define endpoints ^e2f1
  - [ ] Write OpenAPI spec ^g3h4
    Should include request/response examples for every endpoint.

    - [x] Research format ^r1s2
    - [ ] Draft schema ^d3e4
  - [ ] Review with team ^i5j6
- [ ] Write the parser ^a1b2

## Backlog

- [ ] Write man page ^m2v7

## 2026-02-28

- [ ] Prepare demo ^d4e5
  **IMPORTANT**: Book the large conference room.

## 2026-02-24

- [x] Set up repository ^p8q1
";

fn date(y: i32, m: u32, d: u32) -> Date {
    Date::from_ymd(y, m, d).unwrap()
}

#[test]
fn round_trips_byte_for_byte() {
    let file = parse_managed_file(ROUND_TRIP_STUB).unwrap();
    assert_eq!(render_managed_file(&file), ROUND_TRIP_STUB);
}

#[test]
fn round_trips_model_equality() {
    let parsed = parse_managed_file(ROUND_TRIP_STUB).unwrap();
    let rendered = render_managed_file(&parsed);
    let reparsed = parse_managed_file(&rendered).unwrap();
    assert_eq!(parsed, reparsed);
}

#[test]
fn renders_no_frontmatter_when_all_fields_empty() {
    let file = ManagedFile {
        frontmatter: Frontmatter::default(),
        sections: vec![Section { kind: SectionKind::Today, tasks: vec![] }],
        source: String::new(),
    };
    assert_eq!(render_managed_file(&file), "## Today\n");
}

#[test]
fn emits_unknown_frontmatter_keys_after_known_ones() {
    let file = ManagedFile {
        frontmatter: Frontmatter {
            mode: Some(FileMode::Managed),
            extras: vec![
                (String::from("another_one"), String::from("42")),
                (String::from("custom_key"), String::from("some value")),
            ],
            ..Default::default()
        },
        sections: vec![],
        source: String::new(),
    };
    assert_eq!(
        render_managed_file(&file),
        "---\ntomb_mode: managed\nanother_one: 42\ncustom_key: some value\n---\n"
    );
}

#[test]
fn sorts_sections_today_backlog_then_dates_descending() {
    let file = ManagedFile {
        frontmatter: Frontmatter::default(),
        sections: vec![
            Section { kind: SectionKind::Date(date(2026, 2, 20)), tasks: vec![] },
            Section { kind: SectionKind::Backlog, tasks: vec![] },
            Section { kind: SectionKind::Date(date(2026, 2, 28)), tasks: vec![] },
            Section { kind: SectionKind::Today, tasks: vec![] },
        ],
        source: String::new(),
    };
    assert_eq!(
        render_managed_file(&file),
        "## Today\n\n## Backlog\n\n## 2026-02-28\n\n## 2026-02-20\n"
    );
}

#[test]
fn renders_external_link_between_title_and_id() {
    let file = ManagedFile {
        frontmatter: Frontmatter::default(),
        sections: vec![Section {
            kind: SectionKind::Today,
            tasks: vec![Task {
                id: Some(String::from("bug1")),
                title: String::from("Fix the bug"),
                link: Some(TaskLink {
                    label: String::from("proj#42"),
                    url: String::from("https://example.com/issues/42"),
                }),
                status: TaskStatus::Todo,
                description: String::new(),
                children: vec![],
                source_range: 0..0,
            }],
        }],
        source: String::new(),
    };
    assert_eq!(
        render_managed_file(&file),
        "## Today\n\n- [ ] Fix the bug [proj#42](https://example.com/issues/42) ^bug1\n"
    );
}

#[test]
fn renders_only_present_frontmatter_fields() {
    let file = ManagedFile {
        frontmatter: Frontmatter {
            mode: Some(FileMode::Managed),
            context: Some(String::from("work")),
            ..Default::default()
        },
        sections: vec![],
        source: String::new(),
    };
    assert_eq!(render_managed_file(&file), "---\ntomb_mode: managed\ncontext: work\n---\n");
}

#[test]
fn round_trips_three_level_nesting_with_descriptions_at_each_level() {
    let source = "## Today\n\n- [ ] Level one ^l1\n  Description for level one.\n\n  - [/] Level two ^l2\n    Description for level two.\n\n    - [x] Level three ^l3\n      Description for level three.\n";
    let file = parse_managed_file(source).unwrap();
    assert_eq!(render_managed_file(&file), source);
}

#[test]
fn renders_dates_with_padding_and_sign() {
    let file = ManagedFile {
        frontmatter: Frontmatter { last_rollover: Some(date(812, 3, 4)), ..Default::default() },
        sections: vec![Section { kind: SectionKind::Date(date(12345, 11, 30)), tasks: vec![] }],
        source: String::new(),
    };
    assert_eq!(render_managed_file(&file), "---\nlast_rollover: 0812-03-04\n---\n\n## +12345-11-30\n");
}

#[test]
fn renders_every_status_marker_and_version() {
    let mk = |status, id: &str| Task {
        id: Some(String::from(id)),
        title: String::from("t"),
        link: None,
        status,
        description: String::new(),
        children: vec![],
        source_range: 0..0,
    };
    let file = ManagedFile {
        frontmatter: Frontmatter { version: Some(255), ..Default::default() },
        sections: vec![Section {
            kind: SectionKind::Backlog,
            tasks: vec![
                mk(TaskStatus::Todo, "a"),
                mk(TaskStatus::InProgress, "b"),
                mk(TaskStatus::Done, "c"),
                mk(TaskStatus::Cancelled, "d"),
            ],
        }],
        source: String::new(),
    };
    assert_eq!(
        render_managed_file(&file),
        "---\ntomb_version: 255\n---\n\n## Backlog\n\n- [ ] t ^a\n- [/] t ^b\n- [x] t ^c\n- [-] t ^d\n"
    );
}

#[test]
fn description_after_subtasks_keeps_its_indent() {
    let source = "## Today\n\n- [ ] a ^a1\n  before\n\n  - [ ] b ^b1\n\n  after\n";
    let file = parse_managed_file(source).unwrap();
    assert_eq!(
        render_managed_file(&file),
        "## Today\n\n- [ ] a ^a1\n  before\n\n  after\n\n  - [ ] b ^b1\n"
    );
}

#[test]
fn extras_are_written_as_a_map() {
    let file = ManagedFile {
        frontmatter: Frontmatter {
            extras: vec![
                (String::from("zeta"), String::from("1")),
                (String::from("alpha"), String::from("2")),
                (String::from("zeta"), String::from("3")),
            ],
            ..Default::default()
        },
        sections: vec![],
        source: String::new(),
    };
    assert_eq!(render_managed_file(&file), "---\nalpha: 2\nzeta: 3\n---\n");
}
