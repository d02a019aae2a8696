use std::path::Path;

use tomb::config::{resolve_path, select_config, Config, ConfigSource, DirProbe, FileEntry, InboxEntry, ResolvedFile};

#[test]
fn resolve_files_expands_paths_and_globs() {
    let root = Path::new("/tmp/tomb-test-root");
    let notes = root.join("notes.md").to_string_lossy().into_owned();
    let todo = root.join("todo.md").to_string_lossy().into_owned();

    let config = Config {
        files: vec![
            FileEntry::Path {
                path: notes.clone(),
                context: Some("personal".into()),
            },
            FileEntry::Glob {
                glob: root.join("*.md").to_string_lossy().into(),
                context: None,
            },
        ],
        inbox: vec![],
        root_dir: Some(root.to_string_lossy().into_owned()),
    };
    // What the glob of the second entry matches in a directory holding
    // notes.md, todo.md and readme.txt.
    let matches = vec![vec![], vec![notes.clone(), todo.clone()]];

    let files = config.resolve_files(&matches);

    assert_eq!(files.iter().filter(|f| f.path == notes).count(), 1);
    assert!(files.iter().any(|f| f.path == notes));
    assert!(files.iter().any(|f| f.path == todo));
    assert!(!files.iter().any(|f| f.path.ends_with(".txt")));
    let found = files.iter().find(|f| f.path == notes).unwrap();
    assert_eq!(found.context, Some("personal".into()));
}

#[test]
fn tilde_expansion() {
    let path = resolve_path("/tmp", "~/foo");
    let path = Path::new(&path);
    assert!(!path.starts_with("~"));
    assert!(path.starts_with(etcetera::home_dir().unwrap()));
    assert!(path.ends_with("foo"))
}

#[test]
fn relative_and_absolute_paths() {
    assert_eq!(resolve_path("/base", "notes.md"), "/base/notes.md");
    assert_eq!(resolve_path("/base", "/abs/notes.md"), "/abs/notes.md");
}

#[test]
fn path_entries_win_over_glob_matches() {
    let config = Config {
        files: vec![
            FileEntry::Glob { glob: "*.md".into(), context: Some("glob".into()) },
            FileEntry::Path { path: "b.md".into(), context: Some("explicit".into()) },
            FileEntry::Path { path: "c.md".into(), context: None },
        ],
        inbox: vec![],
        root_dir: None,
    };
    let files = config.resolve_files(&vec![vec!["a.md".into(), "b.md".into()]]);
    assert_eq!(
        files,
        vec![
            ResolvedFile { path: "a.md".into(), context: Some("glob".into()) },
            ResolvedFile { path: "b.md".into(), context: Some("explicit".into()) },
            ResolvedFile { path: "c.md".into(), context: None },
        ]
    );
}

#[test]
fn resolve_paths_resolves_relative_entries_against_root() {
    let mut config = Config {
        files: vec![
            FileEntry::Path { path: "notes.md".into(), context: None },
            FileEntry::Glob { glob: "*.md".into(), context: Some("docs".into()) },
        ],
        inbox: vec![InboxEntry { path: "inbox.md".into() }],
        root_dir: Some("/root/dir".into()),
    };
    tomb::config::resolve_paths(&mut config);
    assert_eq!(
        config.files,
        vec![
            FileEntry::Path { path: "/root/dir/notes.md".into(), context: None },
            FileEntry::Glob { glob: "*.md".into(), context: Some("docs".into()) },
        ]
    );
    assert_eq!(config.inbox, vec![InboxEntry { path: "/root/dir/inbox.md".into() }]);
    assert_eq!(config.inbox().unwrap().path, "/root/dir/inbox.md");
}

#[test]
fn inbox_of_config_without_one_is_none() {
    assert!(Config::default().inbox().is_none());
}

fn probe(has_root_marker: bool, has_config: bool) -> DirProbe {
    DirProbe { has_root_marker, has_config }
}

#[test]
fn nearest_ancestor_config_wins() {
    let dirs = vec![probe(false, false), probe(false, false), probe(false, true), probe(false, true)];
    assert_eq!(select_config(&dirs, true, true), Some(ConfigSource::Ancestor(2)));
}

#[test]
fn walk_stops_at_root_marker() {
    let dirs = vec![probe(false, false), probe(true, false), probe(false, true)];
    assert_eq!(select_config(&dirs, true, true), Some(ConfigSource::Home));
    assert_eq!(select_config(&dirs, false, true), Some(ConfigSource::Platform));
}

#[test]
fn marker_directory_with_config_is_used() {
    let dirs = vec![probe(false, false), probe(true, true)];
    assert_eq!(select_config(&dirs, false, false), Some(ConfigSource::Ancestor(1)));
}

#[test]
fn no_config_anywhere_selects_none() {
    assert_eq!(select_config(&vec![probe(false, false)], false, false), None);
    assert_eq!(select_config(&vec![], false, false), None);
}

#[test]
fn first_glob_match_wins_among_globs_and_first_path_among_paths() {
    let config = Config {
        files: vec![
            FileEntry::Glob { glob: "a/*".into(), context: Some("one".into()) },
            FileEntry::Glob { glob: "*".into(), context: Some("two".into()) },
            FileEntry::Path { path: "p.md".into(), context: Some("first".into()) },
            FileEntry::Path { path: "p.md".into(), context: Some("second".into()) },
        ],
        inbox: vec![],
        root_dir: None,
    };
    let matches = vec![vec!["x.md".into()], vec!["y.md".into(), "x.md".into()]];
    let files = config.resolve_files(&matches);
    assert_eq!(
        files,
        vec![
            ResolvedFile { path: "x.md".into(), context: Some("one".into()) },
            ResolvedFile { path: "y.md".into(), context: Some("two".into()) },
            ResolvedFile { path: "p.md".into(), context: Some("first".into()) },
        ]
    );
}

#[test]
fn empty_config_has_nothing() {
    let c = Config::empty();
    assert!(c.files.is_empty() && c.inbox.is_empty() && c.root_dir.is_none());
    assert_eq!(c, Config::default());
}

#[test]
fn paths_are_compared_by_component() {
    let config = Config {
        files: vec![
            FileEntry::Path { path: "/r/notes.md".into(), context: Some("explicit".into()) },
            FileEntry::Glob { glob: "/r/*.md".into(), context: None },
        ],
        inbox: vec![],
        root_dir: None,
    };
    let files = config.resolve_files(&vec![vec![], vec!["/r//notes.md".into(), "/r/./todo.md".into(), "/r/todo.md".into()]]);
    assert_eq!(
        files,
        vec![
            ResolvedFile { path: "/r/notes.md".into(), context: Some("explicit".into()) },
            ResolvedFile { path: "/r/./todo.md".into(), context: None },
        ]
    );
}
