use tomb::date::Date;
use tomb::model::{FileMode, Frontmatter, Section, SectionKind, Task, TaskLink, TaskStatus};
use tomb::markdown::{MdEvent, MdEventKind};
use tomb::parser::{parse_events, parse_managed_file};

const TEST_MD_STUB: &str = "---
tomb_mode: managed
tomb_version: 1
context: work
last_rollover: 2026-02-25
---

## Today

- [/] Design the API [org/basalt#42](https://github.com/org/basalt/issues/42) ^t3k9
  We need to finalize the REST API before the frontend team starts.
  Targeting OpenAPI 3.1 spec.

  ```yaml
  openapi: 3.1.0
  info:
    version: 1.0.0
    title: Example API
  ```

  - [x] Define endpoints ^e2f1
  - [ ] Write OpenAPI spec ^g3h4
    Should include request/response examples for every endpoint.

    - [x] Research format ^r1s2
    - [ ] Draft schema ^d3e4
  - [ ] Review with team ^i5j6
- [ ] Write the parser ^a1b2

## Backlog

- [ ] Write man page ^m2v7

## 2026-02-28

- [ ] Prepare demo ^d4e5
  **IMPORTANT**: Book the large conference room.
  Invite list: engineering, product, design.

  ```sql
  SELECT * FROM rooms WHERE capacity > 20;
  ```

  - [ ] Book room ^b1r2

## 2026-02-24

- [x] Set up repository ^p8q1
";

fn date(y: i32, m: u32, d: u32) -> Date {
    Date::from_ymd(y, m, d).unwrap()
}

fn leaf(id: &str, title: &str, status: TaskStatus, start: usize, end: usize) -> Task {
    Task {
        id: Some(String::from(id)),
        title: String::from(title),
        link: None,
        status,
        description: String::new(),
        children: vec![],
        source_range: start..end,
    }
}

#[test]
fn test_parser_run() {
    let file = parse_managed_file(TEST_MD_STUB).unwrap();
    assert_eq!(
        file.frontmatter,
        Frontmatter {
            mode: Some(FileMode::Managed),
            version: Some(1),
            context: Some(String::from("work")),
            last_rollover: Some(date(2026, 2, 25)),
            ..Default::default()
        }
    );
    assert_eq!(
        file.sections,
        vec![
            Section {
                kind: SectionKind::Today,
                tasks: vec![
                    Task {
                        id: Some(String::from("t3k9")),
                        title: String::from("Design the API"),
                        link: Some(TaskLink {
                            label: String::from("org/basalt#42"),
                            url: String::from("https://github.com/org/basalt/issues/42"),
                        }),
                        status: TaskStatus::InProgress,
                        description: String::from(
                            "We need to finalize the REST API before the frontend team starts.\n  Targeting OpenAPI 3.1 spec.\n\n  ```yaml\n  openapi: 3.1.0\n  info:\n    version: 1.0.0\n    title: Example API\n  ```"
                        ),
                        children: vec![
                            leaf("e2f1", "Define endpoints", TaskStatus::Done, 363, 392),
                            Task {
                                id: Some(String::from("g3h4")),
                                title: String::from("Write OpenAPI spec"),
                                link: None,
                                status: TaskStatus::Todo,
                                description: String::from(
                                    "Should include request/response examples for every endpoint."
                                ),
                                children: vec![
                                    leaf("r1s2", "Research format", TaskStatus::Done, 495, 523),
                                    leaf("d3e4", "Draft schema", TaskStatus::Todo, 527, 552),
                                ],
                                source_range: 394..552,
                            },
                            leaf("i5j6", "Review with team", TaskStatus::Todo, 554, 583),
                        ],
                        source_range: 94..583,
                    },
                    leaf("a1b2", "Write the parser", TaskStatus::Todo, 583, 613),
                ]
            },
            Section {
                kind: SectionKind::Backlog,
                tasks: vec![leaf("m2v7", "Write man page", TaskStatus::Todo, 625, 653)]
            },
            Section {
                kind: SectionKind::Date(date(2026, 2, 28)),
                tasks: vec![Task {
                    id: Some(String::from("d4e5")),
                    title: String::from("Prepare demo"),
                    link: None,
                    status: TaskStatus::Todo,
                    description: String::from(
                        "**IMPORTANT**: Book the large conference room.\n  Invite list: engineering, product, design.\n\n  ```sql\n  SELECT * FROM rooms WHERE capacity > 20;\n  ```"
                    ),
                    children: vec![leaf("b1r2", "Book room", TaskStatus::Todo, 849, 872)],
                    source_range: 668..872,
                }]
            },
            Section {
                kind: SectionKind::Date(date(2026, 2, 24)),
                tasks: vec![leaf("p8q1", "Set up repository", TaskStatus::Done, 887, 917)]
            }
        ]
    );
}

#[test]
fn parses_all_task_markers() {
    let file = parse_managed_file(
        "## Today\n\n- [ ] Todo task ^t001\n- [/] In progress task ^t002\n- [x] Done task ^t003\n- [-] Cancelled task ^t004\n",
    )
    .unwrap();
    let statuses: Vec<_> = file.sections[0].tasks.iter().map(|task| task.status).collect();
    assert_eq!(
        statuses,
        vec![TaskStatus::Todo, TaskStatus::InProgress, TaskStatus::Done, TaskStatus::Cancelled]
    );
}

#[test]
fn infers_managed_mode_from_headings() {
    let file = parse_managed_file("## Today\n\n- [ ] Write the parser ^a1b2\n").unwrap();
    assert_eq!(file.frontmatter.mode, None);
    assert_eq!(file.mode(), FileMode::Managed);
}

#[test]
fn falls_back_to_tracked_mode() {
    let file =
        parse_managed_file("# Some notes\n\nJust a plain markdown file with no tomb sections.\n").unwrap();
    assert_eq!(file.frontmatter.mode, None);
    assert_eq!(file.mode(), FileMode::Tracking);
}

#[test]
fn explicit_mode_overrides_inference() {
    let file = parse_managed_file("---\ntomb_mode: tracked\n---\n\n## Today\n").unwrap();
    assert_eq!(file.frontmatter.mode, Some(FileMode::Tracking));
    assert_eq!(file.mode(), FileMode::Tracking);
}

#[test]
fn missing_frontmatter_yields_default_fields() {
    let file = parse_managed_file("Just some text, no tomb structure.\n").unwrap();
    assert_eq!(file.frontmatter, Frontmatter::default());
    assert_eq!(file.mode(), FileMode::Tracking);
}

#[test]
fn captures_unknown_frontmatter_keys() {
    let file =
        parse_managed_file("---\ntomb_mode: managed\ncustom_key: some value\nanother_one: 42\n---\n").unwrap();
    // sorted by key, as a BTreeMap holds them
    assert_eq!(
        file.frontmatter.extras,
        vec![
            (String::from("another_one"), String::from("42")),
            (String::from("custom_key"), String::from("some value")),
        ]
    );
}

#[test]
fn extracts_block_ids() {
    let file = parse_managed_file("## Today\n\n- [ ] Task with id ^abc123\n- [ ] Task without id\n").unwrap();
    let tasks = &file.sections[0].tasks;
    assert_eq!(tasks[0].id.as_deref(), Some("abc123"));
    assert_eq!(tasks[0].title, "Task with id");
    assert_eq!(tasks[1].id, None);
    assert_eq!(tasks[1].title, "Task without id");
}

#[test]
fn extracts_external_link() {
    let file =
        parse_managed_file("## Today\n\n- [ ] Fix the bug [proj#42](https://example.com/issues/42) ^bug1\n").unwrap();
    let task = &file.sections[0].tasks[0];
    assert_eq!(task.title, "Fix the bug");
    assert_eq!(task.id.as_deref(), Some("bug1"));
    assert_eq!(
        task.link,
        Some(TaskLink {
            label: String::from("proj#42"),
            url: String::from("https://example.com/issues/42"),
        })
    );
}

#[test]
fn parses_three_level_nesting_with_descriptions() {
    let file = parse_managed_file(
        "## Today\n\n- [ ] Level one ^l1\n  Description for level one.\n\n  - [/] Level two ^l2\n    Description for level two.\n\n    - [x] Level three ^l3\n      Description for level three.\n",
    )
    .unwrap();
    let l1 = &file.sections[0].tasks[0];
    assert_eq!(l1.title, "Level one");
    assert_eq!(l1.description, "Description for level one.");
    let l2 = &l1.children[0];
    assert_eq!(l2.title, "Level two");
    assert_eq!(l2.status, TaskStatus::InProgress);
    assert_eq!(l2.description, "Description for level two.");
    let l3 = &l2.children[0];
    assert_eq!(l3.title, "Level three");
    assert_eq!(l3.status, TaskStatus::Done);
    assert_eq!(l3.description, "Description for level three.");
    assert!(l3.children.is_empty());
}

#[test]
fn parses_code_block_in_description() {
    let file = parse_managed_file(
        "## Today\n\n- [ ] Task with code ^code1\n  Here is some code:\n\n  ```rust\n  fn main() {}\n  ```\n",
    )
    .unwrap();
    let task = &file.sections[0].tasks[0];
    assert_eq!(task.title, "Task with code");
    assert_eq!(task.description, "Here is some code:\n\n  ```rust\n  fn main() {}\n  ```");
    assert!(task.children.is_empty());
}

#[test]
fn parses_multi_paragraph_description() {
    let file = parse_managed_file(
        "## Today\n\n- [ ] Multi paragraph ^mp1\n  First paragraph of the description.\n\n  Second paragraph after a blank line.\n",
    )
    .unwrap();
    let task = &file.sections[0].tasks[0];
    assert_eq!(
        task.description,
        "First paragraph of the description.\n\n  Second paragraph after a blank line."
    );
}

#[test]
fn source_ranges_map_back_to_original() {
    let source = "## Today\n\n- [ ] Standalone task ^solo\n- [/] Parent task ^par1\n  - [x] Child task ^chld\n";
    let file = parse_managed_file(source).unwrap();
    let tasks = &file.sections[0].tasks;
    assert_eq!(&source[tasks[0].source_range.clone()], "- [ ] Standalone task ^solo\n");
    let parent = &tasks[1];
    assert_eq!(
        &source[parent.source_range.clone()],
        "- [/] Parent task ^par1\n  - [x] Child task ^chld\n"
    );
    let child = &parent.children[0];
    assert_eq!(&source[child.source_range.clone()], "- [x] Child task ^chld\n");
}

#[test]
fn unknown_marker_char_is_not_a_task() {
    let file = parse_managed_file("## Today\n\n- [?] Not a task ^q1\n- [ ] A task ^t1\n").unwrap();
    let tasks = &file.sections[0].tasks;
    assert_eq!(tasks.len(), 1);
    assert_eq!(tasks[0].id.as_deref(), Some("t1"));
}

#[test]
fn tasks_before_any_section_are_dropped() {
    let file = parse_managed_file("- [ ] Orphan ^o1\n\n## Backlog\n\n- [ ] Kept ^k1\n").unwrap();
    assert_eq!(file.sections.len(), 1);
    assert_eq!(file.sections[0].kind, SectionKind::Backlog);
    assert_eq!(file.sections[0].tasks.len(), 1);
}

#[test]
fn invalid_version_is_none() {
    let file = parse_managed_file("---\ntomb_version: 300\ncontext:  spaced  \n---\n").unwrap();
    assert_eq!(file.frontmatter.version, None);
    assert_eq!(file.frontmatter.context.as_deref(), Some("spaced"));
}

#[test]
fn parse_events_reads_a_hand_made_stream() {
    let source = "## Today\n\n- [ ] Task ^a1\n";
    let ev = |kind: MdEventKind, start: usize, end: usize| MdEvent { kind, start, end };
    let events = vec![
        ev(MdEventKind::StartHeading(2), 0, 9),
        ev(MdEventKind::Text(String::from("Today")), 3, 8),
        ev(MdEventKind::EndOther, 0, 9),
        ev(MdEventKind::StartList, 10, 25),
        ev(MdEventKind::StartItem, 10, 25),
        ev(MdEventKind::TaskListMarker(false), 12, 15),
        ev(MdEventKind::Text(String::from("Task ^a1")), 16, 24),
        ev(MdEventKind::EndItem, 10, 25),
        ev(MdEventKind::EndList, 10, 25),
    ];
    let file = parse_events(source, &events).unwrap();
    assert_eq!(file.sections.len(), 1);
    assert_eq!(file.sections[0].kind, SectionKind::Today);
    let task = &file.sections[0].tasks[0];
    assert_eq!(task.title, "Task");
    assert_eq!(task.id.as_deref(), Some("a1"));
    assert_eq!(task.status, TaskStatus::Todo);
    assert_eq!(task.source_range, 10..25);
}

#[test]
fn block_ids_take_unicode_alphanumerics_only() {
    let file = parse_managed_file("## Today\n\n- [ ] One ^é1\n- [ ] Two ^a→b\n- [ ] Three ^→\n").unwrap();
    let tasks = &file.sections[0].tasks;
    assert_eq!(tasks[0].id.as_deref(), Some("é1"));
    assert_eq!(tasks[0].title, "One");
    assert_eq!(tasks[1].id, None);
    assert_eq!(tasks[1].title, "Two ^a→b");
    assert_eq!(tasks[2].id, None);
    assert_eq!(tasks[2].title, "Three ^→");
}

#[test]
fn only_a_trailing_caret_id_is_a_block_id() {
    let file = parse_managed_file("## Today\n\n- [ ] Fix ^bug now\n- [ ] Fix ^bug\n").unwrap();
    let tasks = &file.sections[0].tasks;
    assert_eq!(tasks[0].id, None);
    assert_eq!(tasks[0].title, "Fix ^bug now");
    assert_eq!(tasks[1].id.as_deref(), Some("bug"));
    assert_eq!(tasks[1].title, "Fix");
}

#[test]
fn only_level_two_headings_open_sections() {
    let file = parse_managed_file("# Today\n\n- [ ] a ^x1\n").unwrap();
    assert!(file.sections.is_empty());
    let file = parse_managed_file("## Today\n\n- [ ] a ^x1\n\n### Backlog\n\n- [ ] b ^x2\n").unwrap();
    assert_eq!(file.sections.len(), 1);
    assert_eq!(file.sections[0].kind, SectionKind::Today);
    assert_eq!(file.sections[0].tasks.len(), 2);
}

#[test]
fn descriptions_leave_out_subtasks() {
    let file = parse_managed_file("## Today\n\n- [ ] a\n  before\n\n  - [ ] b\n\n  after\n").unwrap();
    let t = &file.sections[0].tasks[0];
    assert_eq!(t.children.len(), 1);
    assert_eq!(t.children[0].title, "b");
    assert!(!t.description.contains("- [ ] b"));
    assert!(t.description.contains("before"));
    assert!(t.description.contains("after"));
    assert_eq!(t.description, "before\n\n  after");
}

fn today_tasks(body: &str) -> Vec<Task> {
    let file = parse_managed_file(&format!("## Today\n\n{}", body)).unwrap();
    file.sections[0].tasks.clone()
}

#[test]
fn slash_emits_extended_marker() {
    let tasks = today_tasks("- [/] in progress\n");
    assert_eq!(tasks.len(), 1);
    assert_eq!(tasks[0].status, TaskStatus::InProgress);
    assert_eq!(tasks[0].title, "in progress");
}

#[test]
fn dash_emits_extended_marker() {
    let tasks = today_tasks("- [-] cancelled\n");
    assert_eq!(tasks.len(), 1);
    assert_eq!(tasks[0].status, TaskStatus::Cancelled);
    assert_eq!(tasks[0].title, "cancelled");
}

#[test]
fn mixed_standard_and_extended_markers() {
    let tasks = today_tasks("- [x] done\n- [ ] todo\n- [/] in progress\n- [-] cancelled\n");
    let statuses: Vec<TaskStatus> = tasks.iter().map(|t| t.status).collect();
    assert_eq!(
        statuses,
        vec![TaskStatus::Done, TaskStatus::Todo, TaskStatus::InProgress, TaskStatus::Cancelled]
    );
}

#[test]
fn empty_brackets_not_a_task() {
    assert!(today_tasks("- [] nope\n").is_empty());
}

#[test]
fn any_single_char_emits_extended_marker() {
    for ch in ['/', '-', '!', '?', '>', '<', '*', '~', '+', '1'] {
        let input = format!("- [{}] task\n", ch);
        let tasks = today_tasks(&input);
        let expected = match ch {
            '/' => Some(TaskStatus::InProgress),
            '-' => Some(TaskStatus::Cancelled),
            _ => None,
        };
        assert_eq!(tasks.first().map(|t| t.status), expected, "input: {}", input.trim());
    }
}

#[test]
fn multi_char_not_a_task() {
    assert!(today_tasks("- [ab] nope\n").is_empty());
}
